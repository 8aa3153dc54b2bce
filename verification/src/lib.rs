//! A verified model of a directory-tree crawler.
//!
//! The library specifies and proves the observable behaviour of a crawler
//! that walks a rooted subtree and hands every reachable leaf to a
//! caller-supplied action, under three interchangeable strategies: a
//! single worker with a private stack, a fixed pool of workers sharing one
//! stack and an active-worker counter that drives the termination
//! consensus, and a recursive spawner joined through a handle queue.  The
//! filesystem is modelled as a snapshot ([`fs_tree::FsTree`]); a driver
//! that works against a live filesystem performs the probes and listings
//! itself and uses the verified decision functions
//! ([`strategy::classify`], [`strategy::should_exit`]) at every step.

use vstd::prelude::*;

pub mod dir_work;
pub mod fs_tree;
pub mod laws;
pub mod pool_crawler;
pub mod recursive_crawler;
pub mod seq_facts;
pub mod single_crawler;
pub mod strategy;

verus! {

use crate::fs_tree::FsTree;
use crate::pool_crawler::crawl_pool;
use crate::recursive_crawler::crawl_recursive;
use crate::single_crawler::crawl_single;
use crate::strategy::Strategy;
use crate::strategy::crawl_post;

/// The uniform entry point: crawls the snapshot under the chosen strategy
/// and reports the entries handed to the action, in delivery order.  All
/// strategies deliver the same files; `workers` is the pool strategy's
/// worker count and is ignored by the others.
pub fn crawl(t: &FsTree, strategy: Strategy, workers: usize) -> (visits: Vec<usize>)
    requires
        t.wf(),
        strategy == Strategy::Pool ==> 1 <= workers,
    ensures
        crawl_post(*t, strategy, visits@),
{
    match strategy {
        Strategy::Single => crawl_single(t),
        Strategy::Pool => crawl_pool(t, workers),
        Strategy::Recursive => {
            let picks: Vec<usize> = Vec::new();
            crawl_recursive(t, &picks)
        },
    }
}

} // verus!
