pub mod headscale;
pub mod patterns;
pub mod processing;
pub mod rules;
pub mod traefik;
