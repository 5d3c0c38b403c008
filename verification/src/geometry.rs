//! The job/machine shape and its validating constructor.

use vstd::prelude::*;

verus! {

/// Error raised when a job/machine shape fails validation. It carries a
/// human-readable reason identifying the constraint that failed.
#[derive(Debug)]
pub struct GeometryError {
    message: String,
}

impl View for GeometryError {
    type V = Seq<char>;

    closed spec fn view(&self) -> Seq<char> {
        self.message@
    }
}

impl GeometryError {
    /// The reason describing which constraint failed.
    pub fn message(&self) -> (m: &str)
        ensures
            m@ == self@,
    {
        self.message.as_str()
    }
}

/// The number of logical CPUs per node: hyperthreading doubles the number of
/// physical cores.
pub open spec fn spec_logical_cpus(cpus_per_node: u32, hyperthreading: bool) -> int {
    cpus_per_node * (if hyperthreading {
        2int
    } else {
        1int
    })
}

/// A job geometry: the shape of a job (`tasks` x `threads`) together with the
/// shape of the machine it runs on.
#[derive(Clone, Copy, Debug, PartialEq, Eq, Structural)]
pub struct Geometry {
    /// The number of physical CPU cores available per node.
    pub cpus_per_node: u32,
    /// Whether hyperthreading is active; if so each node offers twice
    /// `cpus_per_node` logical CPUs.
    pub hyperthreading: bool,
    /// The number of logical CPUs per node, derived at construction.
    pub logical_cpus: u32,
    /// The number of parallel tasks (PEs in Cray language) the job uses.
    pub tasks: u32,
    /// The number of threads allocated to each task.
    pub threads: u32,
}

impl Geometry {
    /// A well-formed geometry: every value produced by the validating
    /// constructor satisfies this, and every operation of the library
    /// requires it.
    pub open spec fn wf(self) -> bool {
        &&& 1 <= self.cpus_per_node
        &&& 1 <= self.tasks
        &&& 1 <= self.threads
        &&& self.logical_cpus as int == spec_logical_cpus(self.cpus_per_node, self.hyperthreading)
        &&& self.threads <= self.logical_cpus
    }

    /// Returns a geometry for the given job specification, or an error if
    /// the geometry is invalid.
    ///
    /// Construction fails exactly when `cpus_per_node`, `tasks` or `threads`
    /// is zero, or when `threads` exceeds the number of logical CPUs on a
    /// node; the error message names the first constraint that failed.
    ///
    /// With hyperthreading the logical-CPU count is twice `cpus_per_node`
    /// and must still fit `u32`, so callers keep `cpus_per_node` at or
    /// below `u32::MAX / 2` in that case.
    pub fn new(cpus_per_node: u32, hyperthreading: bool, tasks: u32, threads: u32) -> (r: Result<
        Geometry,
        GeometryError,
    >)
        requires
            hyperthreading ==> cpus_per_node <= u32::MAX / 2,
        ensures
            r is Ok <==> (1 <= cpus_per_node && 1 <= tasks && 1 <= threads && threads as int
                <= spec_logical_cpus(cpus_per_node, hyperthreading)),
            r matches Ok(g) ==> {
                &&& g.wf()
                &&& g.cpus_per_node == cpus_per_node
                &&& g.hyperthreading == hyperthreading
                &&& g.logical_cpus as int == spec_logical_cpus(cpus_per_node, hyperthreading)
                &&& g.tasks == tasks
                &&& g.threads == threads
            },
            cpus_per_node == 0 ==> (r matches Err(e) && e@ == "CPUs per node must be > 0"@),
            1 <= cpus_per_node && (tasks == 0 || threads == 0) ==> (r matches Err(e) && e@
                == "tasks and threads must be > 0"@),
            1 <= cpus_per_node && 1 <= tasks && 1 <= threads && threads as int > spec_logical_cpus(
                cpus_per_node,
                hyperthreading,
            ) ==> (r matches Err(e) && e@ == "threads cannot exceed CPUs per node"@),
    {
        let logical_cpus: u32 = cpus_per_node * (if hyperthreading {
            2
        } else {
            1
        });
        if cpus_per_node == 0 {
            Err(GeometryError { message: "CPUs per node must be > 0".to_owned() })
        } else if tasks == 0 || threads == 0 {
            Err(GeometryError { message: "tasks and threads must be > 0".to_owned() })
        } else if threads > logical_cpus {
            Err(GeometryError { message: "threads cannot exceed CPUs per node".to_owned() })
        } else {
            Ok(Geometry { cpus_per_node, hyperthreading, logical_cpus, tasks, threads })
        }
    }

    /// The geometry with the same machine shape as `geom` but the given task
    /// and thread counts.
    pub open spec fn spec_with_tasks_and_threads(geom: Geometry, tasks: u32, threads: u32) -> Geometry {
        Geometry { tasks, threads, ..geom }
    }

    /// A copy of `geom` carrying the given task and thread counts, produced
    /// through the validating constructor. The caller must already know the
    /// new counts to be in range for the machine shape.
    pub fn with_tasks_and_threads(geom: Geometry, tasks: u32, threads: u32) -> (g: Geometry)
        requires
            geom.wf(),
            1 <= tasks,
            1 <= threads,
            threads <= geom.logical_cpus,
        ensures
            g == Self::spec_with_tasks_and_threads(geom, tasks, threads),
            g.wf(),
    {
        match Geometry::new(geom.cpus_per_node, geom.hyperthreading, tasks, threads) {
            Ok(g) => g,
            Err(_) => {
                proof {
                    assert(false);
                }
                geom
            },
        }
    }
}

} // verus!
