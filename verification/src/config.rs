//! Database configuration and its validation.

use crate::error::{decimal, decimal_text, KhadyotaError};
use vstd::prelude::*;
use vstd::string::*;

verus! {

/// The distance used where raw vectors are compared directly.
#[derive(Debug, Clone, Copy, PartialEq, Eq, Structural)]
pub enum DistanceMetric {
    Cosine,
    Euclidean,
    DotProduct,
}

/// The options fixed at database creation.
#[derive(Debug, Clone, Copy)]
pub struct Config {
    /// Vector length.
    pub dimensions: usize,
    /// Distance used by the linear scan.
    pub metric: DistanceMetric,
    /// Whether vectors are compressed by product quantization.
    pub use_pq: bool,
    /// Number of subvectors a vector is split into for quantization.
    pub pq_subvectors: usize,
    /// Number of coarse clusters.
    pub num_clusters: usize,
    /// Number of clusters visited per query.
    pub num_probe: usize,
}

impl Default for Config {
    fn default() -> (c: Config)
        ensures
            c == (Config {
                dimensions: 512,
                metric: DistanceMetric::Cosine,
                use_pq: true,
                pq_subvectors: 8,
                num_clusters: 100,
                num_probe: 10,
            }),
    {
        Config {
            dimensions: 512,
            metric: DistanceMetric::Cosine,
            use_pq: true,
            pq_subvectors: 8,
            num_clusters: 100,
            num_probe: 10,
        }
    }
}

impl Config {
    /// A vector has at least one component.
    pub open spec fn has_dimensions(&self) -> bool {
        self.dimensions > 0
    }

    /// With quantization on, the subvector count divides the vector length.
    pub open spec fn splits_evenly(&self) -> bool {
        self.use_pq ==> self.pq_subvectors > 0 && self.dimensions % self.pq_subvectors == 0
    }

    /// The configurations a database can be created with.
    pub open spec fn is_valid(&self) -> bool {
        self.has_dimensions() && self.splits_evenly()
    }

    /// What the rejection of this configuration says.
    pub open spec fn rejection_text(&self) -> Seq<char> {
        if !self.has_dimensions() {
            "Dimensions must be > 0"@
        } else {
            "Dimensions ("@ + decimal_text(self.dimensions as nat)
                + ") must be divisible by pq_subvectors ("@ + decimal_text(
                self.pq_subvectors as nat,
            ) + ")"@
        }
    }

    /// Accepts exactly the valid configurations; any other is rejected as
    /// `InvalidConfig`, a zero length before an uneven split.
    pub fn validate(&self) -> (r: Result<(), KhadyotaError>)
        ensures
            r is Ok <==> self.is_valid(),
            r matches Err(e) ==> e matches KhadyotaError::InvalidConfig(m) && m@
                == self.rejection_text(),
    {
        if self.dimensions == 0 {
            return Err(KhadyotaError::InvalidConfig(String::from_str("Dimensions must be > 0")));
        }
        if self.use_pq && (self.pq_subvectors == 0 || self.dimensions % self.pq_subvectors != 0) {
            let mut m = String::from_str("Dimensions (");
            let d = decimal(self.dimensions as u64);
            m.append(d.as_str());
            m.append(") must be divisible by pq_subvectors (");
            let p = decimal(self.pq_subvectors as u64);
            m.append(p.as_str());
            m.append(")");
            return Err(KhadyotaError::InvalidConfig(m));
        }
        Ok(())
    }

    /// The length of one subvector.
    pub fn subvector_size(&self) -> (n: usize)
        requires
            self.pq_subvectors > 0,
        ensures
            n == self.dimensions / self.pq_subvectors,
    {
        self.dimensions / self.pq_subvectors
    }
}

} // verus!
