//! Verified core of the Starkeeper Media first-run setup and the Steam
//! artwork loader: text encodings, the OpenID sign-in flow, the `.env`
//! credential store, the VDF artwork lookup and the loader's batch logic.

pub mod text;
pub mod openid;
pub mod pages;
pub mod setup;
pub mod dotenv;
pub mod vdf;
pub mod logos;
