use vstd::prelude::*;
use crate::text::str_eq;

verus! {

/// The kinds of trading agents that can be deployed in a market.
#[derive(Debug, Clone, Copy, PartialEq, Eq, Structural, Hash)]
pub enum AgentType {
    MarketMaker,
    Momentum,
    Fundamental,
    Noise,
    HedgeFund,
    CentralBank,
}

/// The agent type named by a configuration keyword, if any.
pub open spec fn agent_type_named(s: Seq<char>) -> Option<AgentType> {
    if s == "market_maker"@ {
        Some(AgentType::MarketMaker)
    } else if s == "momentum"@ {
        Some(AgentType::Momentum)
    } else if s == "fundamental"@ {
        Some(AgentType::Fundamental)
    } else if s == "noise"@ {
        Some(AgentType::Noise)
    } else if s == "hedge_fund"@ {
        Some(AgentType::HedgeFund)
    } else if s == "central_bank"@ {
        Some(AgentType::CentralBank)
    } else {
        None
    }
}

impl AgentType {
    /// Parses a configuration keyword such as `"market_maker"`.
    pub fn from_str(s: &str) -> (r: Option<AgentType>)
        ensures
            r == agent_type_named(s@),
    {
        if str_eq(s, "market_maker") {
            Some(AgentType::MarketMaker)
        } else if str_eq(s, "momentum") {
            Some(AgentType::Momentum)
        } else if str_eq(s, "fundamental") {
            Some(AgentType::Fundamental)
        } else if str_eq(s, "noise") {
            Some(AgentType::Noise)
        } else if str_eq(s, "hedge_fund") {
            Some(AgentType::HedgeFund)
        } else if str_eq(s, "central_bank") {
            Some(AgentType::CentralBank)
        } else {
            None
        }
    }
}

/// Settings of the quantum-inspired optimisation layer.
#[derive(Debug, Clone, Copy, PartialEq, Eq, Structural)]
pub struct QuantumConfig {
    pub enable_qaoa: bool,
    pub enable_annealing: bool,
    pub enable_tensor_networks: bool,
    pub optimization_frequency_ticks: u64,
}

impl Default for QuantumConfig {
    fn default() -> (r: QuantumConfig)
        ensures
            r.enable_qaoa,
            r.enable_annealing,
            !r.enable_tensor_networks,
            r.optimization_frequency_ticks == 100,
    {
        QuantumConfig {
            enable_qaoa: true,
            enable_annealing: true,
            enable_tensor_networks: false,
            optimization_frequency_ticks: 100,
        }
    }
}

/// Scenario events that can be injected into a running simulation.
#[derive(Debug, Clone, Copy, PartialEq, Eq, Structural)]
pub enum EventType {
    RateHike,
    RateCut,
    BankFailure,
    GeopoliticalShock,
    FlashCrash,
    LiquidityInjection,
    RegulatoryChange,
}

/// The event type named by a scenario keyword, if any.
pub open spec fn event_type_named(s: Seq<char>) -> Option<EventType> {
    if s == "rate_hike"@ {
        Some(EventType::RateHike)
    } else if s == "rate_cut"@ {
        Some(EventType::RateCut)
    } else if s == "bank_failure"@ {
        Some(EventType::BankFailure)
    } else if s == "geopolitical"@ {
        Some(EventType::GeopoliticalShock)
    } else if s == "flash_crash"@ {
        Some(EventType::FlashCrash)
    } else if s == "liquidity_injection"@ {
        Some(EventType::LiquidityInjection)
    } else if s == "regulatory_change"@ {
        Some(EventType::RegulatoryChange)
    } else {
        None
    }
}

impl EventType {
    /// Parses a scenario keyword such as `"flash_crash"`.
    pub fn from_str(s: &str) -> (r: Option<EventType>)
        ensures
            r == event_type_named(s@),
    {
        if str_eq(s, "rate_hike") {
            Some(EventType::RateHike)
        } else if str_eq(s, "rate_cut") {
            Some(EventType::RateCut)
        } else if str_eq(s, "bank_failure") {
            Some(EventType::BankFailure)
        } else if str_eq(s, "geopolitical") {
            Some(EventType::GeopoliticalShock)
        } else if str_eq(s, "flash_crash") {
            Some(EventType::FlashCrash)
        } else if str_eq(s, "liquidity_injection") {
            Some(EventType::LiquidityInjection)
        } else if str_eq(s, "regulatory_change") {
            Some(EventType::RegulatoryChange)
        } else {
            None
        }
    }
}

} // verus!
