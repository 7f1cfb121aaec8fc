//! The verified core of a personal wiki server.

pub mod auth;
pub mod communities;
pub mod community_laws;
pub mod config;
pub mod db;
pub mod file_laws;
pub mod file_requests;
pub mod files;
pub mod graph;
pub mod graph_laws;
pub mod http;
pub mod insight_laws;
pub mod insights;
pub mod links;
pub mod markdown;
pub mod markdown_laws;
pub mod order;
pub mod outside;
pub mod path_laws;
pub mod paths;
pub mod project_laws;
pub mod projects;
pub mod request_laws;
pub mod search;
pub mod search_laws;
pub mod server_bind;
pub mod server_laws;
pub mod skill_laws;
pub mod skills;
pub mod text;
pub mod text_laws;
pub mod tree_laws;
pub mod vectorstore;
pub mod wiki_search;
pub mod wiki_search_laws;
