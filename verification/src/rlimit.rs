//! Per-process resource limits.
use vstd::prelude::*;
use crate::consts::{KHEAP_SZ, USR_STK_SZ};

verus! {

#[derive(Clone, Copy)]
pub struct ResourceLimits {
    pub max_fds: usize,
    pub max_threads: usize,
    pub max_stack_size: usize,
    pub max_data_size: usize,
    pub max_file_size: usize,
    pub max_mappings: usize,
    pub cpu_time_limit: usize,
}

/// The resource numbers that can be read and set: CPU time (0), file size
/// (1), data (2), stack (3) and open files (7).
pub open spec fn limit_of(l: ResourceLimits, resource: usize) -> Option<usize> {
    if resource == 0 {
        Some(l.cpu_time_limit)
    } else if resource == 1 {
        Some(l.max_file_size)
    } else if resource == 2 {
        Some(l.max_data_size)
    } else if resource == 3 {
        Some(l.max_stack_size)
    } else if resource == 7 {
        Some(l.max_fds)
    } else {
        None
    }
}

/// The limits with one resource set to `value`; other numbers change nothing.
pub open spec fn with_limit(l: ResourceLimits, resource: usize, value: usize) -> ResourceLimits {
    if resource == 0 {
        ResourceLimits { cpu_time_limit: value, ..l }
    } else if resource == 1 {
        ResourceLimits { max_file_size: value, ..l }
    } else if resource == 2 {
        ResourceLimits { max_data_size: value, ..l }
    } else if resource == 3 {
        ResourceLimits { max_stack_size: value, ..l }
    } else if resource == 7 {
        ResourceLimits { max_fds: value, ..l }
    } else {
        l
    }
}

/// Reading a limit back after setting it gives the value set, and every
/// other resource reads as before.
pub proof fn law_set_then_get(l: ResourceLimits, resource: usize, value: usize, other: usize)
    requires
        limit_of(l, resource) is Some,
    ensures
        limit_of(with_limit(l, resource, value), resource) == Some(value),
        other != resource ==> limit_of(with_limit(l, resource, value), other) == limit_of(l, other),
{
}

impl ResourceLimits {
    pub fn default_limits() -> (r: Self)
        ensures
            r.max_fds == 1024,
            r.max_threads == 256,
            r.max_stack_size == USR_STK_SZ * 4,
            r.max_data_size == KHEAP_SZ,
            r.max_file_size == usize::MAX,
            r.max_mappings == 65536,
            r.cpu_time_limit == 0,
    {
        ResourceLimits {
            max_fds: 1024,
            max_threads: 256,
            max_stack_size: USR_STK_SZ * 4,
            max_data_size: KHEAP_SZ,
            max_file_size: usize::MAX,
            max_mappings: 65536,
            cpu_time_limit: 0,
        }
    }

    pub fn check_fd(&self, current: usize) -> (r: bool)
        ensures
            r == (current < self.max_fds),
    {
        current < self.max_fds
    }

    pub fn check_threads(&self, current: usize) -> (r: bool)
        ensures
            r == (current < self.max_threads),
    {
        current < self.max_threads
    }

    pub fn check_stack(&self, requested: usize) -> (r: bool)
        ensures
            r == (requested <= self.max_stack_size),
    {
        requested <= self.max_stack_size
    }

    pub fn check_data(&self, requested: usize) -> (r: bool)
        ensures
            r == (requested <= self.max_data_size),
    {
        requested <= self.max_data_size
    }

    pub fn check_filesize(&self, requested: usize) -> (r: bool)
        ensures
            r == (requested <= self.max_file_size),
    {
        requested <= self.max_file_size
    }

    pub fn check_mappings(&self, current: usize) -> (r: bool)
        ensures
            r == (current < self.max_mappings),
    {
        current < self.max_mappings
    }

    /// The limits a child starts with: the same as its parent's.
    pub fn inherit(&self) -> (r: Self)
        ensures
            r == *self,
    {
        ResourceLimits {
            max_fds: self.max_fds,
            max_threads: self.max_threads,
            max_stack_size: self.max_stack_size,
            max_data_size: self.max_data_size,
            max_file_size: self.max_file_size,
            max_mappings: self.max_mappings,
            cpu_time_limit: self.cpu_time_limit,
        }
    }

    /// Sets one limit; an unknown resource is refused and nothing changes.
    pub fn set_limit(&mut self, resource: usize, value: usize) -> (r: Result<(), &'static str>)
        ensures
            limit_of(*old(self), resource) is None ==> r == Err::<(), &'static str>("einval") && *final(self) == *old(self),
            limit_of(*old(self), resource) is Some ==> r == Ok::<(), &'static str>(()),
            *final(self) == with_limit(*old(self), resource, value),
    {
        match resource {
            0 => {
                self.cpu_time_limit = value;
                Ok(())
            },
            1 => {
                self.max_file_size = value;
                Ok(())
            },
            2 => {
                self.max_data_size = value;
                Ok(())
            },
            3 => {
                self.max_stack_size = value;
                Ok(())
            },
            7 => {
                self.max_fds = value;
                Ok(())
            },
            _ => Err("einval"),
        }
    }

    /// Reads one limit; an unknown resource is refused.
    pub fn get_limit(&self, resource: usize) -> (r: Result<usize, &'static str>)
        ensures
            r == match limit_of(*self, resource) {
                Some(v) => Ok::<usize, &'static str>(v),
                None => Err::<usize, &'static str>("einval"),
            },
    {
        match resource {
            0 => Ok(self.cpu_time_limit),
            1 => Ok(self.max_file_size),
            2 => Ok(self.max_data_size),
            3 => Ok(self.max_stack_size),
            7 => Ok(self.max_fds),
            _ => Err("einval"),
        }
    }

    /// Whether open files, threads or stack go over their limits.
    pub fn exceeds_any(&self, fds: usize, threads: usize, stack: usize) -> (r: bool)
        ensures
            r == (fds > self.max_fds || threads > self.max_threads || stack > self.max_stack_size),
    {
        fds > self.max_fds || threads > self.max_threads || stack > self.max_stack_size
    }
}

} // verus!
