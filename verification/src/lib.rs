//! Detection of Cloudflare challenges and the decisions around answering them:
//! which pattern a response shows, which browser profile to present, how long
//! to wait, and when a browser has cleared a challenge.

pub mod browser;
pub mod browser_laws;
pub mod detector_laws;
pub mod detectors;
pub mod ieee;
pub mod pattern_search;
pub mod random;
pub mod rounding;
pub mod solvers;
pub mod text;
pub mod text_laws;
pub mod text_map;
pub mod timing;
pub mod user_agent_laws;
pub mod user_agents;
pub mod web_url;
