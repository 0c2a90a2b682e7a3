//! Decision logic of a fuzzing front end, stated and proved.

pub mod adapter;
pub mod build_stamp;
pub mod comparison;
pub mod comparison_entries;
pub mod comparison_issues;
pub mod comparison_laws;
pub mod comparison_render;
pub mod daemon_error;
pub mod digest;
pub mod evidence_laws;
pub mod fatal_signal;
pub mod fidelity;
pub mod go_build;
pub mod go_call;
pub mod go_harness_laws;
pub mod go_laws;
pub mod go_template;
pub mod go_type_laws;
pub mod go_types;
pub mod job_file;
pub mod jobs;
pub mod json;
pub mod operation_laws;
pub mod pack;
pub mod platform_laws;
pub mod render_laws;
pub mod report;
pub mod rtos;
pub mod sched;
pub mod scheduler;
pub mod scheduler_laws;
pub mod service_laws;
pub mod text;
pub mod text_laws;
pub mod transport_campaign;
pub mod transport_fault;
pub mod transport_laws;
pub mod transport_spec;
pub mod tsan;
pub mod tsan_laws;
pub mod webhook;
pub mod worker;
pub mod worker_laws;
