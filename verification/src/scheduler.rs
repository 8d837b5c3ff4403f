//! The scheduling strategies and the factory that picks one by name.
pub mod strategy;
pub mod edf;

pub use strategy::{SchedulingStrategy, FixedPriorityScheduler};
pub use edf::GlobalEDFScheduler;
pub mod fair;
pub mod global_queue;

pub use fair::CFS;
pub use global_queue::GlobalQueueScheduler;
pub mod partitioned;

pub use partitioned::DynamicPriorityPartitionedScheduler;
pub mod multilevel;

pub use multilevel::MultiLevelQueueScheduler;
pub mod work_stealing;

pub use work_stealing::WorkStealingScheduler;
pub mod factory;

pub use factory::{Scheduler, SchedulerFactory, algorithm_for_choice, is_known_algorithm};
