//! Core logic of a batch media-detection pipeline.
//!
//! The library covers the decision-making parts of a pipeline that scans a
//! directory tree of photos and videos, runs an object detector over every
//! image and over sampled frames of every video, and writes per-frame
//! detection records to a checkpointed result file.  File, network and
//! accelerator I/O live outside the library; every function here works on
//! plain values and carries a contract.

pub mod checkpoint;
pub mod codec;
pub mod detect;
pub mod ep;
pub mod export;
pub mod geometry;
pub mod indexer;
pub mod io;
pub mod media;
pub mod text;
pub mod utils;

use vstd::prelude::*;

use crate::checkpoint::ExportFormat;
use crate::utils::Ep;

verus! {

/// One detect pool: which accelerator, how many workers, and the device
/// it binds to.
pub struct EpConfig {
    pub ep: Ep,
    pub workers: usize,
    pub device: String,
    pub id: String,
}

/// What to scan and with what model.
pub struct DetectOptions {
    pub selected_folder: String,
    pub model: String,
    pub resume_path: Option<String>,
    pub guess: bool,
    pub ep: Vec<EpConfig>,
}

/// Tuning knobs of one run.  Thresholds are fixed-point (`SCALE` units).
pub struct ConfigOptions {
    pub confidence_threshold: i64,
    pub iou_threshold: i64,
    pub export_format: ExportFormat,
    pub max_frames: Option<usize>,
    pub iframe_only: bool,
    pub check_point: usize,
    pub buffer_path: Option<String>,
    pub buffer_size: usize,
    pub batch_size: usize,
}

/// Everything one run needs.
pub struct Config {
    pub detect_options: DetectOptions,
    pub config_options: ConfigOptions,
}

/// Why a run was refused before it started.
#[derive(Clone, Copy, Debug, PartialEq, Eq, Structural)]
pub enum ConfigError {
    ZeroCheckpoint,
    CapacityTooLarge,
}

/// The sizes the orchestrator builds the pipeline with.
pub struct PipelinePlan {
    pub worker_sum: usize,
    pub frame_channel_capacity: usize,
    pub export_workers: usize,
    pub detect_timeout_ms: usize,
}

/// Total detect workers over all pools.
pub open spec fn spec_worker_sum(eps: Seq<EpConfig>) -> int
    decreases eps.len(),
{
    if eps.len() == 0 {
        0
    } else {
        spec_worker_sum(eps.drop_last()) + eps.last().workers
    }
}

/// Plan one run: refuse a zero snapshot interval; otherwise size the
/// bounded frame channel to twice a full batch for every worker (the
/// backpressure bound), run four exporters, and flush detect batches
/// after fifty milliseconds of silence.
pub fn plan_pipeline(config: &Config) -> (r: Result<PipelinePlan, ConfigError>)
    ensures
        (match r {
            Ok(plan) => {
                &&& config.config_options.check_point > 0
                &&& plan.worker_sum == spec_worker_sum(config.detect_options.ep@)
                &&& plan.frame_channel_capacity == config.config_options.batch_size
                    * spec_worker_sum(config.detect_options.ep@) * 2
                &&& plan.export_workers == 4
                &&& plan.detect_timeout_ms == 50
            },
            Err(e) => {
                ||| (e == ConfigError::ZeroCheckpoint && config.config_options.check_point == 0)
                ||| (e == ConfigError::CapacityTooLarge && config.config_options.check_point > 0
                    && (spec_worker_sum(config.detect_options.ep@) > usize::MAX
                        || config.config_options.batch_size * spec_worker_sum(
                        config.detect_options.ep@,
                    ) * 2 > usize::MAX))
            },
        }),
{
    if config.config_options.check_point == 0 {
        return Err(ConfigError::ZeroCheckpoint);
    }
    let eps = &config.detect_options.ep;
    let mut sum: u128 = 0;
    let mut i: usize = 0;
    while i < eps.len()
        invariant
            i <= eps@.len(),
            sum == spec_worker_sum(eps@.take(i as int)),
            sum <= i * (usize::MAX as u128),
        decreases eps@.len() - i,
    {
        proof {
            assert(eps@.take(i as int + 1).drop_last() =~= eps@.take(i as int));
            assert(eps@.take(i as int + 1).last() == eps@[i as int]);
            assert((i as int) * (usize::MAX as int) + (usize::MAX as int) == (i as int + 1) * (
            usize::MAX as int)) by (nonlinear_arith);
            assert((i as int + 1) * (usize::MAX as int) <= u128::MAX) by (nonlinear_arith)
                requires
                    0 <= (i as int) + 1 <= 0x1_0000_0000_0000_0000,
                    0 <= (usize::MAX as int) < 0x1_0000_0000_0000_0000,
            ;
        }
        sum = sum + (eps[i].workers as u128);
        i = i + 1;
    }
    proof {
        assert(eps@.take(eps@.len() as int) =~= eps@);
    }
    if sum > usize::MAX as u128 {
        return Err(ConfigError::CapacityTooLarge);
    }
    let b = config.config_options.batch_size as u128;
    proof {
        assert(b * sum <= (usize::MAX as u128) * (usize::MAX as u128) && b * sum >= 0)
            by (nonlinear_arith)
            requires
                0 <= b <= (usize::MAX as u128),
                0 <= sum <= (usize::MAX as u128),
        ;
    }
    let prod = b * sum;
    if prod > usize::MAX as u128 {
        return Err(ConfigError::CapacityTooLarge);
    }
    let cap = prod * 2;
    if cap > usize::MAX as u128 {
        return Err(ConfigError::CapacityTooLarge);
    }
    Ok(
        PipelinePlan {
            worker_sum: sum as usize,
            frame_channel_capacity: cap as usize,
            export_workers: 4,
            detect_timeout_ms: 50,
        },
    )
}

/// Progress over one run: how many files are done of how many.
pub struct ProgressTracker {
    pub done: usize,
    pub total: usize,
}

impl ProgressTracker {
    pub fn new(total: usize) -> (r: ProgressTracker)
        ensures
            r.done == 0,
            r.total == total,
    {
        ProgressTracker { done: 0, total }
    }

    /// One more file finished; yields the percentage to publish.
    pub fn tick(&mut self) -> (percent: u8)
        requires
            old(self).done < old(self).total,
        ensures
            final(self).done == old(self).done + 1,
            final(self).total == old(self).total,
            percent as int == ((old(self).done as int) + 1) * 100 / (old(self).total as int),
    {
        self.done = self.done + 1;
        let p: u128 = (self.done as u128) * 100 / (self.total as u128);
        proof {
            assert((self.done as int) * 100 <= (usize::MAX as int) * 100) by (nonlinear_arith)
                requires
                    0 <= (self.done as int) <= (usize::MAX as int),
            ;
            assert((self.done as int) * 100 / (self.total as int) <= 100) by (nonlinear_arith)
                requires
                    0 < (self.total as int),
                    0 <= (self.done as int) <= (self.total as int),
            ;
        }
        p as u8
    }
}

} // verus!

