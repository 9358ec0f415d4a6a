//! Synchronization primitives: spinning and blocking mutexes, semaphores and
//! condition variables. Each operation changes the primitive's state and says
//! which thread the scheduler must block or wake.

pub mod condvar;
pub mod mutex;
pub mod semaphore;
