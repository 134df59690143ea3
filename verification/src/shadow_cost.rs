//! The simulation and search engine: the generator, the card multiset, the
//! game simulator, the score statistic, trials, the trial cache and the search.
pub mod xor_rand;
pub mod cards;
pub mod score;
pub mod player;
pub mod trial;
pub mod trial_cache;
pub mod cost_sim;

pub use cards::Cards;
pub use cards::COST_MAX;
pub use score::Score;
pub use trial::Trial;
pub use trial_cache::TrialCache;
pub use cost_sim::CostSim;
pub use cost_sim::TOP_GROUP_SIZE;
pub use player::HAND_MAX;
pub use player::INITIAL_HAND_COUNT;
pub use xor_rand::XorRand;
