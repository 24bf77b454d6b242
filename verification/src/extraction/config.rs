//! What can be set about the grouping of log lines.

use crate::extraction::tree::Rules;
use vstd::prelude::*;

verus! {

/// A fraction, held exactly.
#[derive(Debug, Clone, Copy, PartialEq, Eq, Structural)]
pub struct Ratio {
    pub numerator: u64,
    pub denominator: u64,
}

impl Ratio {
    /// Whether `part` of `whole` is at least this fraction.
    pub open spec fn reached(self, part: nat, whole: nat) -> bool {
        part * self.denominator >= self.numerator * whole
    }

    /// Whether `part` of `whole` is at least this fraction.
    pub fn is_reached(&self, part: usize, whole: usize) -> (yes: bool)
        ensures
            yes == self.reached(part as nat, whole as nat),
    {
        let (numerator, denominator) = (self.numerator, self.denominator);
        assert(0 <= part * denominator <= 0xffff_ffff_ffff_ffff * 0xffff_ffff_ffff_ffff)
            by (nonlinear_arith)
            requires
                0 <= part <= 0xffff_ffff_ffff_ffff,
                0 <= denominator <= 0xffff_ffff_ffff_ffff,
        ;
        assert(0 <= numerator * whole <= 0xffff_ffff_ffff_ffff * 0xffff_ffff_ffff_ffff)
            by (nonlinear_arith)
            requires
                0 <= whole <= 0xffff_ffff_ffff_ffff,
                0 <= numerator <= 0xffff_ffff_ffff_ffff,
        ;
        part as u128 * denominator as u128 >= numerator as u128 * whole as u128
    }
}

/// How log lines are grouped.
#[derive(Debug, Clone, PartialEq)]
pub struct Config {
    /// How many layers of nodes lie below the root of the prefix tree. Two less
    /// than `log_cluster_depth` in a `Drain`, whatever it was before.
    pub max_node_depth: usize,
    /// How many layers there are from the root down to the clusters, both counted.
    pub log_cluster_depth: usize,
    /// The least part of the tokens that a line has in common with its cluster.
    pub sim_th: Ratio,
    /// How many children a node of the prefix tree below the root has at most.
    pub max_children: usize,
    /// What separates tokens besides white space.
    pub extra_delimiters: Vec<String>,
    /// How many clusters are kept at most; 0 means no limit.
    pub max_clusters: usize,
    /// The token that a template has where its lines differ.
    pub param_string: String,
}

impl Config {
    /// How the prefix tree grows.
    pub open spec fn rules(&self) -> Rules {
        Rules {
            depth: self.max_node_depth as nat,
            children: self.max_children as nat,
            param: self.param_string@,
        }
    }
}

impl Default for Config {
    fn default() -> (config: Config)
        ensures
            config.max_node_depth == 0,
            config.log_cluster_depth == 4,
            config.sim_th == (Ratio { numerator: 2, denominator: 5 }),
            config.max_children == 100,
            config.extra_delimiters@ == Seq::<String>::empty(),
            config.max_clusters == 10000,
            config.param_string@ == "<*>"@,
    {
        Config {
            max_node_depth: 0,
            log_cluster_depth: 4,
            sim_th: Ratio { numerator: 2, denominator: 5 },
            max_children: 100,
            extra_delimiters: Vec::new(),
            max_clusters: 10000,
            param_string: "<*>".to_string(),
        }
    }
}

} // verus!
