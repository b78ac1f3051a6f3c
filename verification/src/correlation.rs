//! The result record of one evaluated pair, and the closed set of
//! correlation methods.

use crate::bits;
use vstd::prelude::*;

verus! {

/// A correlation analysis result: primary label (gene), secondary label
/// (GEM), optional CpG Site ID, correlation statistic, p-value and adjusted
/// p-value. The numeric fields hold binary64 bit patterns; `statistic` and
/// `p_value` are `None` exactly when matching-only mode excluded the pair,
/// and `adjusted_p_value` is set by the adjustment stage alone.
#[derive(Clone, Debug)]
pub struct CorResult {
    /// Gene name.
    pub gene: String,
    /// Gene Expression Modulator (GEM) name.
    pub gem: String,
    /// CpG Site ID.
    pub cpg_site_id: Option<String>,
    /// Correlation statistic (Pearson, Spearman or Kendall, as selected).
    pub correlation: Option<u64>,
    /// P-value.
    pub p_value: Option<u64>,
    /// Adjusted p-value (Benjamini-Hochberg, Benjamini-Yekutieli or
    /// Bonferroni, as selected).
    pub adjusted_p_value: Option<u64>,
}

/// The mathematical image of a `CorResult`: labels as character sequences,
/// numeric fields as bit patterns.
pub struct CorResultV {
    pub gene: Seq<char>,
    pub gem: Seq<char>,
    pub cpg_site_id: Option<Seq<char>>,
    pub correlation: Option<u64>,
    pub p_value: Option<u64>,
    pub adjusted_p_value: Option<u64>,
}

impl View for CorResult {
    type V = CorResultV;

    open spec fn view(&self) -> CorResultV {
        CorResultV {
            gene: self.gene@,
            gem: self.gem@,
            cpg_site_id: match self.cpg_site_id {
                Some(c) => Some(c@),
                None => None,
            },
            correlation: self.correlation,
            p_value: self.p_value,
            adjusted_p_value: self.adjusted_p_value,
        }
    }
}

/// The images of a sequence of records.
pub open spec fn views(s: Seq<CorResult>) -> Seq<CorResultV> {
    s.map_values(|r: CorResult| r@)
}

impl CorResult {
    /// Builds a record from its fields.
    pub fn new(
        gene: String,
        gem: String,
        cpg_site_id: Option<String>,
        correlation: Option<u64>,
        p_value: Option<u64>,
        adjusted_p_value: Option<u64>,
    ) -> (r: CorResult)
        ensures
            r.gene@ == gene@,
            r.gem@ == gem@,
            r.correlation == correlation,
            r.p_value == p_value,
            r.adjusted_p_value == adjusted_p_value,
            r@.cpg_site_id == (match cpg_site_id {
                Some(c) => Some(c@),
                None => None::<Seq<char>>,
            }),
    {
        CorResult { gene, gem, cpg_site_id, correlation, p_value, adjusted_p_value }
    }

    /// The CpG Site ID, or the empty string when there is none.
    pub fn cpg_site_id_description(&self) -> (r: String)
        ensures
            r@ == (match self@.cpg_site_id {
                Some(c) => c,
                None => Seq::<char>::empty(),
            }),
    {
        match &self.cpg_site_id {
            Some(cpg) => cpg.clone(),
            None => String::new(),
        }
    }

    /// The magnitude of the correlation statistic, as a bit pattern.
    /// The record must hold a statistic, as every record does once
    /// matching-only placeholders have been filtered out.
    pub fn abs_correlation(&self) -> (r: u64)
        requires
            self.correlation is Some,
        ensures
            r == self.correlation->0 & bits::MAG_MASK,
            bits::fkey(r) >= 0,
    {
        let c = match &self.correlation {
            Some(c) => *c,
            None => 0,
        };
        bits::abs_bits(c)
    }
}

/// The closed set of correlation methods.
#[derive(Clone, Copy, Debug, PartialEq, Eq, Structural)]
pub enum CorrelationMethod {
    Spearman,
    Kendall,
    Pearson,
}

impl CorrelationMethod {
    /// The method's display name.
    pub fn description(&self) -> (r: String)
        ensures
            self is Spearman ==> r@ == "Spearman"@,
            self is Kendall ==> r@ == "Kendall"@,
            self is Pearson ==> r@ == "Pearson"@,
    {
        match self {
            CorrelationMethod::Spearman => "Spearman".to_owned(),
            CorrelationMethod::Kendall => "Kendall".to_owned(),
            CorrelationMethod::Pearson => "Pearson".to_owned(),
        }
    }
}

} // verus!
