//! A random forest toolkit: a reproducible PCG pseudo-random generator,
//! observation masks with bagging, fair tie breaking, decision trees with a
//! depth-first serialisable walk, vote routing and class-vote aggregation.

pub mod classification;
mod codes;
mod error;
mod fair_best;
mod forest;
mod importance;
mod mask;
mod maybe_vec;
mod rng;
mod rfinput;
mod sampler;
mod schema;
mod tools;
mod tree;
mod votes;

pub use codes::{attribute_kind, training_tasks, AttributeKind, TrainingTasks};
pub use error::XrfError;
pub use fair_best::FairBest;
pub use forest::{Forest, ImportanceSink, Prediction};
pub use mask::{Mask, MaskCache};
pub use maybe_vec::MaybeVec;
pub use rng::RfRng;
pub use rfinput::{AccuracyDecreaseAggregator, DecisionSlice, FeatureSampler, RfInput, VoteAggregator};
pub use sampler::FYSampler;
pub use schema::{check_fit_parameters, validate_schema, ArrayDType, FitParamError, SchemaError};
pub use tools::{midpoint, ordering_vector, MidpointThreshold};
pub use tree::{Tree, Walk};
pub use votes::Votes;
