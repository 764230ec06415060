//! The parameters of the protocol.

use vstd::prelude::*;
use crate::monitor::MonitoringConfig;
use crate::monitor::MonitoringModel;

verus! {

/// Why a set of parameters was refused.
#[derive(Debug, Clone, Copy, PartialEq, Eq, Structural)]
pub enum ConfigError {
    /// The view size is below 2.
    InvalidViewSize,
    /// The healing and the swapping factor together exceed the view size.
    InvalidFactors,
    /// The sampling period and its deviation, in milliseconds, do not fit
    /// 64 bits.
    InvalidPeriod,
}

/// What a configuration is.
pub struct ConfigModel {
    pub address: Seq<char>,
    pub push: bool,
    pub pull: bool,
    pub sampling_period: u64,
    pub sampling_deviation: u64,
    pub view_size: usize,
    pub healing_factor: usize,
    pub swapping_factor: usize,
    pub monitoring: MonitoringModel,
}

/// The peer sampling parameters.
#[derive(Debug)]
pub struct Config {
    address: String,
    push: bool,
    pull: bool,
    sampling_period: u64,
    sampling_deviation: u64,
    view_size: usize,
    healing_factor: usize,
    swapping_factor: usize,
    monitoring: MonitoringConfig,
}

impl View for Config {
    type V = ConfigModel;

    closed spec fn view(&self) -> ConfigModel {
        ConfigModel {
            address: self.address@,
            push: self.push,
            pull: self.pull,
            sampling_period: self.sampling_period,
            sampling_deviation: self.sampling_deviation,
            view_size: self.view_size,
            healing_factor: self.healing_factor,
            swapping_factor: self.swapping_factor,
            monitoring: self.monitoring@,
        }
    }
}

/// What is wrong with the given numbers, if anything: the view size `c`,
/// the healing factor `h`, the swapping factor `s`, the sampling period `t`
/// and its deviation `d`, both in seconds.
pub open spec fn parameter_error(c: nat, h: nat, s: nat, t: nat, d: nat) -> Option<ConfigError> {
    if c < 2 {
        Some(ConfigError::InvalidViewSize)
    } else if h + s > c {
        Some(ConfigError::InvalidFactors)
    } else if (t + d) * 1000 > u64::MAX {
        Some(ConfigError::InvalidPeriod)
    } else {
        None
    }
}

/// Whether the parameters of a configuration are in range.
pub open spec fn in_range(config: ConfigModel) -> bool {
    parameter_error(
        config.view_size as nat,
        config.healing_factor as nat,
        config.swapping_factor as nat,
        config.sampling_period as nat,
        config.sampling_deviation as nat,
    ) is None
}

impl Config {
    /// Every configuration has its parameters in range.
    #[verifier::type_invariant]
    pub open spec fn valid(&self) -> bool {
        in_range(self@)
    }

    /// Returns a configuration with the given parameters, or says which of
    /// them is out of range. Without a monitoring configuration nothing is
    /// reported.
    pub fn new(
        address: String,
        push: bool,
        pull: bool,
        sampling_period: u64,
        sampling_deviation: u64,
        view_size: usize,
        healing_factor: usize,
        swapping_factor: usize,
        monitoring_config: Option<MonitoringConfig>,
    ) -> (result: Result<Config, ConfigError>)
        ensures
            match result {
                Ok(config) => {
                    &&& parameter_error(
                        view_size as nat,
                        healing_factor as nat,
                        swapping_factor as nat,
                        sampling_period as nat,
                        sampling_deviation as nat,
                    ) is None
                    &&& config@ == (ConfigModel {
                        address: address@,
                        push,
                        pull,
                        sampling_period,
                        sampling_deviation,
                        view_size,
                        healing_factor,
                        swapping_factor,
                        monitoring: match monitoring_config {
                            Some(monitoring) => monitoring@,
                            None => MonitoringModel {
                                enabled: false,
                                host: Seq::empty(),
                                context: Seq::empty(),
                            },
                        },
                    })
                },
                Err(e) => parameter_error(
                    view_size as nat,
                    healing_factor as nat,
                    swapping_factor as nat,
                    sampling_period as nat,
                    sampling_deviation as nat,
                ) == Some(e),
            },
    {
        if view_size < 2 {
            return Err(ConfigError::InvalidViewSize);
        }
        if healing_factor > view_size || swapping_factor > view_size - healing_factor {
            return Err(ConfigError::InvalidFactors);
        }
        let limit: u64 = u64::MAX / 1000;
        if sampling_period > limit || sampling_deviation > limit - sampling_period {
            return Err(ConfigError::InvalidPeriod);
        }
        let monitoring = match monitoring_config {
            Some(config) => config,
            None => MonitoringConfig::default(),
        };
        Ok(
            Config {
                address,
                push,
                pull,
                sampling_period,
                sampling_deviation,
                view_size,
                healing_factor,
                swapping_factor,
                monitoring,
            },
        )
    }

    /// The address on which the node listens.
    pub fn address(&self) -> (address: &str)
        ensures
            address@ == self@.address,
    {
        self.address.as_str()
    }

    /// The time between two cycles, in seconds.
    pub fn sampling_period(&self) -> (period: u64)
        ensures
            period == self@.sampling_period,
            in_range(self@),
    {
        proof {
            use_type_invariant(self);
        }
        self.sampling_period
    }

    /// The largest random time added to the sampling period, in seconds.
    pub fn sampling_deviation(&self) -> (deviation: u64)
        ensures
            deviation == self@.sampling_deviation,
            in_range(self@),
    {
        proof {
            use_type_invariant(self);
        }
        self.sampling_deviation
    }

    /// The number of peers removed for their age at each merge.
    pub fn healing_factor(&self) -> (h: usize)
        ensures
            h == self@.healing_factor,
            in_range(self@),
    {
        proof {
            use_type_invariant(self);
        }
        self.healing_factor
    }

    /// The number of peers removed from the head at each merge.
    pub fn swapping_factor(&self) -> (s: usize)
        ensures
            s == self@.swapping_factor,
            in_range(self@),
    {
        proof {
            use_type_invariant(self);
        }
        self.swapping_factor
    }

    /// The number of peers in the view of the node.
    pub fn view_size(&self) -> (c: usize)
        ensures
            c == self@.view_size,
            in_range(self@),
    {
        proof {
            use_type_invariant(self);
        }
        self.view_size
    }

    /// Whether the node answers a request with its view.
    pub fn is_pull(&self) -> (pull: bool)
        ensures
            pull == self@.pull,
    {
        self.pull
    }

    /// Whether the node sends its view when it opens an exchange.
    pub fn is_push(&self) -> (push: bool)
        ensures
            push == self@.push,
    {
        self.push
    }

    /// Where and whether the views of the node are reported.
    pub fn monitoring(&self) -> (monitoring: &MonitoringConfig)
        ensures
            monitoring@ == self@.monitoring,
    {
        &self.monitoring
    }
}

impl Clone for Config {
    fn clone(&self) -> (config: Config)
        ensures
            config == *self,
    {
        proof {
            use_type_invariant(self);
        }
        Config {
            address: self.address.clone(),
            push: self.push,
            pull: self.pull,
            sampling_period: self.sampling_period,
            sampling_deviation: self.sampling_deviation,
            view_size: self.view_size,
            healing_factor: self.healing_factor,
            swapping_factor: self.swapping_factor,
            monitoring: self.monitoring.clone(),
        }
    }
}

} // verus!
