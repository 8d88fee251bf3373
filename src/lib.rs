//! Account linking through an OAuth2 authorization-code flow with PKCE, and
//! the rating-tier role bookkeeping that follows a successful link.
pub mod decimal;
pub mod challenge;
pub mod roles;

pub use challenge::{Challenge, ChallengeError, ChallengeRecord, Lookup};
pub use decimal::{decimal, parse_decimal};
pub use roles::{tier, GuildRoleManager, RoleError, SyncPlan, TierRole, TIER_WIDTH};
