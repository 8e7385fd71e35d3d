//! Quantification of microglial cell morphology on dense 2-D pixel grids:
//! connected-component labeling, multi-source region growing, topological
//! thinning, branch detection, geodesic distance histograms and the region
//! measures built on them, together with the workspace bookkeeping types of
//! the surrounding application.

pub mod binary;
pub mod helpers;
pub mod morph;
pub mod pages;
pub mod pipeline;
pub mod regions;
pub mod types;
pub mod workspace;
