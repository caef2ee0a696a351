pub mod first_seen_lemmas;
pub mod listing;
pub mod listing_lemmas;
pub mod order_lemmas;
pub mod ordering;
pub mod services_manager;
