//! Configuration of the miner: the clustering parameters, the placeholder
//! affixes, the masking rules and the snapshot policy. The similarity
//! threshold is the rational `drain_sim_th_num / drain_sim_th_den`.

use vstd::prelude::*;
use vstd::string::*;
use crate::masking::MaskingInstructionConfig;

verus! {

/// Immutable parameters of a miner.
pub struct TemplateMinerConfig {
    pub engine: String,
    pub drain_depth: usize,
    pub drain_sim_th_num: u64,
    pub drain_sim_th_den: u64,
    pub drain_max_children: usize,
    pub drain_max_clusters: Option<usize>,
    pub drain_extra_delimiters: Vec<String>,
    pub mask_prefix: String,
    pub mask_suffix: String,
    pub parametrize_numeric_tokens: bool,
    pub parameter_extraction_cache_capacity: usize,
    pub masking_instructions: Vec<MaskingInstructionConfig>,
    pub snapshot_interval_minutes: u64,
    pub token_template: String,
}

/// The clustering parameters are usable: the tree has depth at least 3 and
/// the similarity threshold is a rational in [0, 1].
pub open spec fn config_valid(c: TemplateMinerConfig) -> bool {
    &&& c.drain_depth >= 3
    &&& 0 < c.drain_sim_th_den
    &&& c.drain_sim_th_num <= c.drain_sim_th_den
}

pub fn default_engine() -> (r: String)
    ensures
        r@ == "Drain"@,
{
    String::from_str("Drain")
}

pub fn default_drain_depth() -> (r: usize)
    ensures
        r == 4,
{
    4
}

/// The default similarity threshold, as a rational: 2/5 (that is, 0.4).
pub fn default_drain_sim_th() -> (r: (u64, u64))
    ensures
        r == (2u64, 5u64),
{
    (2, 5)
}

pub fn default_drain_max_children() -> (r: usize)
    ensures
        r == 100,
{
    100
}

pub fn default_mask_prefix() -> (r: String)
    ensures
        r@ == "<"@,
{
    String::from_str("<")
}

pub fn default_mask_suffix() -> (r: String)
    ensures
        r@ == ">"@,
{
    String::from_str(">")
}

pub fn default_parametrize_numeric_tokens() -> (r: bool)
    ensures
        r == true,
{
    true
}

pub fn default_parameter_extraction_cache_capacity() -> (r: usize)
    ensures
        r == 3000,
{
    3000
}

pub fn default_snapshot_interval_minutes() -> (r: u64)
    ensures
        r == 1,
{
    1
}

impl Default for TemplateMinerConfig {
    /// The defaults: depth 4, threshold 2/5, up to 100 children, affixes
    /// `<` and `>`, numeric parametrization on, no masking rules.
    fn default() -> (c: Self)
        ensures
            config_valid(c),
            c.engine@ == "Drain"@,
            c.drain_depth == 4,
            c.drain_sim_th_num == 2,
            c.drain_sim_th_den == 5,
            c.drain_max_children == 100,
            c.drain_max_clusters is None,
            c.drain_extra_delimiters@.len() == 0,
            c.mask_prefix@ == "<"@,
            c.mask_suffix@ == ">"@,
            c.parametrize_numeric_tokens == true,
            c.parameter_extraction_cache_capacity == 3000,
            c.masking_instructions@.len() == 0,
            c.snapshot_interval_minutes == 1,
            c.token_template@.len() == 0,
    {
        let th = default_drain_sim_th();
        TemplateMinerConfig {
            engine: default_engine(),
            drain_depth: default_drain_depth(),
            drain_sim_th_num: th.0,
            drain_sim_th_den: th.1,
            drain_max_children: default_drain_max_children(),
            drain_max_clusters: None,
            drain_extra_delimiters: Vec::new(),
            mask_prefix: default_mask_prefix(),
            mask_suffix: default_mask_suffix(),
            parametrize_numeric_tokens: default_parametrize_numeric_tokens(),
            parameter_extraction_cache_capacity: default_parameter_extraction_cache_capacity(),
            masking_instructions: Vec::new(),
            snapshot_interval_minutes: default_snapshot_interval_minutes(),
            token_template: String::new(),
        }
    }
}

} // verus!
