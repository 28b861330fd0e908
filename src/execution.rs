use vstd::prelude::*;

verus! {

/// Parameters for EVM execution.
#[derive(Debug, PartialEq, Eq, Default)]
pub struct ExecutionArgs {
    /// Run historical execution in parallel.
    pub parallel: bool,
    /// Path to the block queues for parallel execution.
    pub queue_store: Option<String>,
}

/// One of two executor factories.
#[derive(Debug, PartialEq, Eq)]
pub enum EitherExecutorFactory<A, B> {
    Left(A),
    Right(B),
}

impl ExecutionArgs {
    /// Parallel execution needs the path of its queue store.
    pub open spec fn valid_spec(&self) -> bool {
        self.parallel ==> self.queue_store is Some
    }

    pub fn is_valid(&self) -> (r: bool)
        ensures
            r == self.valid_spec(),
    {
        !self.parallel || self.queue_store.is_some()
    }

    /// The queue store to read when executing in parallel: `Right` with its
    /// path, or `Left` for sequential execution.
    pub fn executor_choice(&self) -> (r: EitherExecutorFactory<(), &String>)
        requires
            self.valid_spec(),
        ensures
            !self.parallel ==> r == EitherExecutorFactory::<(), &String>::Left(()),
            self.parallel ==> (r matches EitherExecutorFactory::Right(p) && *p == self.queue_store->0),
    {
        if self.parallel {
            match &self.queue_store {
                Some(p) => EitherExecutorFactory::Right(p),
                None => EitherExecutorFactory::Left(()),
            }
        } else {
            EitherExecutorFactory::Left(())
        }
    }
}

} // verus!
