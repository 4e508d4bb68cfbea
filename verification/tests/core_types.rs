use qfin_twin::config::{AgentType, EventType, QuantumConfig};
use qfin_twin::ids::{random_uuid, UUID_LAYOUT_MASK, UUID_V4_LAYOUT};
use qfin_twin::text::str_eq;
use qfin_twin::types::{AgentId, OrderId};

#[test]
fn agent_types_parse_from_their_keywords() {
    assert_eq!(AgentType::from_str("market_maker"), Some(AgentType::MarketMaker));
    assert_eq!(AgentType::from_str("momentum"), Some(AgentType::Momentum));
    assert_eq!(AgentType::from_str("fundamental"), Some(AgentType::Fundamental));
    assert_eq!(AgentType::from_str("noise"), Some(AgentType::Noise));
    assert_eq!(AgentType::from_str("hedge_fund"), Some(AgentType::HedgeFund));
    assert_eq!(AgentType::from_str("central_bank"), Some(AgentType::CentralBank));
    assert_eq!(AgentType::from_str("Market_Maker"), None);
    assert_eq!(AgentType::from_str("market_makers"), None);
    assert_eq!(AgentType::from_str(""), None);
}

#[test]
fn event_types_parse_from_their_keywords() {
    assert_eq!(EventType::from_str("rate_hike"), Some(EventType::RateHike));
    assert_eq!(EventType::from_str("rate_cut"), Some(EventType::RateCut));
    assert_eq!(EventType::from_str("bank_failure"), Some(EventType::BankFailure));
    assert_eq!(EventType::from_str("geopolitical"), Some(EventType::GeopoliticalShock));
    assert_eq!(EventType::from_str("flash_crash"), Some(EventType::FlashCrash));
    assert_eq!(EventType::from_str("liquidity_injection"), Some(EventType::LiquidityInjection));
    assert_eq!(EventType::from_str("regulatory_change"), Some(EventType::RegulatoryChange));
    assert_eq!(EventType::from_str("geopolitical_shock"), None);
    assert_eq!(EventType::from_str("rate"), None);
}

#[test]
fn quantum_config_defaults() {
    let q = QuantumConfig::default();
    assert!(q.enable_qaoa);
    assert!(q.enable_annealing);
    assert!(!q.enable_tensor_networks);
    assert_eq!(q.optimization_frequency_ticks, 100);
}

#[test]
fn string_equality_compares_characters() {
    assert!(str_eq("", ""));
    assert!(str_eq("héllo", "héllo"));
    assert!(!str_eq("hello", "hellO"));
    assert!(!str_eq("hell", "hello"));
}

#[test]
fn random_identifiers_are_version_four_uuids() {
    for _ in 0..20 {
        let r = random_uuid();
        assert_eq!(r & UUID_LAYOUT_MASK, UUID_V4_LAYOUT);
    }
    let a = OrderId::new();
    let b = OrderId::new();
    assert_ne!(a, b);
    assert_eq!(a.0 & UUID_LAYOUT_MASK, UUID_V4_LAYOUT);
    let c = AgentId::new();
    assert_eq!(c.0 & UUID_LAYOUT_MASK, UUID_V4_LAYOUT);
    assert_ne!(AgentId::new(), c);
}
