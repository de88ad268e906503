//! Core of a local-first API client: request-file models, variable scopes and
//! `{{var}}` interpolation, request planning, and report building.

pub mod text;
pub mod string_map;
pub mod vars;
pub mod model;
pub mod auth;
pub mod http;
pub mod parser;
pub mod discovery;
pub mod report;
pub mod gui;
